//! Single-precision numbers, held by their bit pattern.

use vstd::arithmetic::power2::*;
use vstd::prelude::*;

verus! {

/// The bit that holds the sign of a number.
pub const SIGN_BIT: u32 = 0x8000_0000;

/// The bit pattern of positive infinity; what lies above it, the sign aside, is not a number.
pub const INFINITY_BITS: u32 = 0x7f80_0000;

/// The number of patterns that share one exponent.
pub const FRACTIONS: u32 = 0x80_0000;

/// The bit pattern of zero.
pub const ZERO: u32 = 0;

/// The bit pattern of one.
pub const ONE: u32 = 0x3f80_0000;

/// The bit pattern of negative zero.
pub const MINUS_ZERO: u32 = 0x8000_0000;

/// The bit pattern of minus one.
pub const MINUS_ONE: u32 = 0xbf80_0000;

/// A single-precision number of IEEE 754, held by its bit pattern.
///
/// The derived equality compares patterns; [`Single::equals`] compares numbers.
#[derive(Clone, Copy, Debug, PartialEq, Eq, Structural)]
pub struct Single {
    pub bits: u32,
}

/// A double-precision number of IEEE 754, held by its bit pattern.
#[derive(Clone, Copy, Debug, PartialEq, Eq, Structural)]
pub struct Double {
    pub bits: u64,
}

/// The value, in units of 2 to the power -149, of the pattern `magnitude` with its sign bit clear.
///
/// Infinity counts as the value that would follow the greatest finite one.
pub open spec fn scale(magnitude: int) -> int {
    let exponent = magnitude / (FRACTIONS as int);
    let fraction = magnitude % (FRACTIONS as int);
    if exponent == 0 {
        fraction
    } else {
        (fraction + FRACTIONS) * pow2((exponent - 1) as nat)
    }
}

impl Single {
    /// The number with the pattern `bits`.
    pub open spec fn of(bits: u32) -> Self {
        Single { bits }
    }

    /// Whether the sign bit is set.
    pub open spec fn negative(self) -> bool {
        self.bits >= SIGN_BIT
    }

    /// The pattern without its sign bit.
    pub open spec fn magnitude(self) -> int {
        if self.negative() {
            self.bits - SIGN_BIT
        } else {
            self.bits as int
        }
    }

    /// Whether the pattern stands for no number.
    pub open spec fn nan(self) -> bool {
        self.magnitude() > INFINITY_BITS
    }

    /// The value of the number, in units of 2 to the power -149.
    pub open spec fn value(self) -> int {
        if self.negative() {
            -scale(self.magnitude())
        } else {
            scale(self.magnitude())
        }
    }

    /// Both are numbers, and the first is less than the second.
    pub open spec fn below(self, other: Self) -> bool {
        !self.nan() && !other.nan() && self.value() < other.value()
    }

    /// Both are numbers, and the first is at most the second.
    pub open spec fn up_to(self, other: Self) -> bool {
        !self.nan() && !other.nan() && self.value() <= other.value()
    }

    /// Both are numbers of the same value.
    pub open spec fn same(self, other: Self) -> bool {
        !self.nan() && !other.nan() && self.value() == other.value()
    }

    /// The number itself, or positive zero in place of what is not a number.
    pub open spec fn cleaned(self) -> Self {
        if self.nan() {
            Self::of(ZERO)
        } else {
            self
        }
    }

    /// The same pattern with its sign bit clear.
    pub open spec fn unsigned(self) -> Self {
        Single { bits: self.magnitude() as u32 }
    }

    /// The same pattern with the other sign.
    pub open spec fn negated(self) -> Self {
        if self.negative() {
            Single { bits: (self.bits - SIGN_BIT) as u32 }
        } else {
            Single { bits: (self.bits + SIGN_BIT) as u32 }
        }
    }

    /// The number, or `least` where it is less.
    pub open spec fn floored(self, least: Self) -> Self {
        if self.below(least) {
            least
        } else {
            self
        }
    }

    /// The number drawn up to `low` where it is less, then down to `high` where that is less.
    pub open spec fn drawn_between(self, low: Self, high: Self) -> Self {
        let raised = if self.below(low) {
            low
        } else {
            self
        };
        if high.below(raised) {
            high
        } else {
            raised
        }
    }

    /// A number ordered as the values are, for patterns that stand for numbers.
    fn key(self) -> (key: i64)
        ensures
            key == (if self.negative() {
                -self.magnitude()
            } else {
                self.magnitude()
            }),
    {
        if self.bits >= SIGN_BIT {
            -((self.bits - SIGN_BIT) as i64)
        } else {
            self.bits as i64
        }
    }

    /// Whether the pattern stands for no number.
    pub fn is_nan(self) -> (r: bool)
        ensures
            r == self.nan(),
    {
        if self.bits >= SIGN_BIT {
            self.bits - SIGN_BIT > INFINITY_BITS
        } else {
            self.bits > INFINITY_BITS
        }
    }

    /// Whether both are numbers and the first is less than the second.
    pub fn less_than(self, other: Self) -> (r: bool)
        ensures
            r == self.below(other),
    {
        proof {
            lemma_key_orders(self, other);
        }
        !self.is_nan() && !other.is_nan() && self.key() < other.key()
    }

    /// Whether both are numbers and the first is at most the second.
    pub fn at_most(self, other: Self) -> (r: bool)
        ensures
            r == self.up_to(other),
    {
        proof {
            lemma_key_orders(self, other);
        }
        !self.is_nan() && !other.is_nan() && self.key() <= other.key()
    }

    /// Whether both are numbers of the same value, zero being equal to negative zero.
    pub fn equals(self, other: Self) -> (r: bool)
        ensures
            r == self.same(other),
    {
        proof {
            lemma_key_orders(self, other);
        }
        !self.is_nan() && !other.is_nan() && self.key() == other.key()
    }

    /// The same number with its sign bit clear.
    pub fn abs(self) -> (r: Self)
        ensures
            r == self.unsigned(),
    {
        if self.bits >= SIGN_BIT {
            Single { bits: self.bits - SIGN_BIT }
        } else {
            self
        }
    }

    /// The same number with the other sign.
    pub fn negate(self) -> (r: Self)
        ensures
            r == self.negated(),
    {
        if self.bits >= SIGN_BIT {
            Single { bits: self.bits - SIGN_BIT }
        } else {
            Single { bits: self.bits + SIGN_BIT }
        }
    }

    /// The number, or `least` where it is less.
    pub fn at_least(self, least: Self) -> (r: Self)
        ensures
            r == self.floored(least),
    {
        if self.less_than(least) {
            least
        } else {
            self
        }
    }

    /// Zero in place of what is not a number, any other number as it is.
    pub fn sanitize(self) -> (r: Self)
        ensures
            r == self.cleaned(),
    {
        if self.is_nan() {
            Single { bits: ZERO }
        } else {
            self
        }
    }

    /// The number drawn into the range from `low` to `high`.
    pub fn limit(self, low: Self, high: Self) -> (r: Self)
        ensures
            r == self.drawn_between(low, high),
    {
        let raised = if self.less_than(low) {
            low
        } else {
            self
        };
        if high.less_than(raised) {
            high
        } else {
            raised
        }
    }
}

/// A greater magnitude has a greater value.
proof fn lemma_scale_increases(a: int, b: int)
    requires
        0 <= a < b,
    ensures
        scale(a) < scale(b),
{
    let n = FRACTIONS as int;
    let (ea, fa) = (a / n, a % n);
    let (eb, fb) = (b / n, b % n);
    assert(a == ea * n + fa && 0 <= fa < n);
    assert(b == eb * n + fb && 0 <= fb < n);
    assert(ea <= eb);
    if eb > 0 {
        let q = pow2((eb - 1) as nat) as int;
        lemma_pow2_pos((eb - 1) as nat);
        assert((fb + n) * q >= n * q) by (nonlinear_arith)
            requires
                fb >= 0,
                q > 0,
        ;
        if ea == eb {
            assert((fa + n) * q < (fb + n) * q) by (nonlinear_arith)
                requires
                    fa < fb,
                    q > 0,
            ;
        } else if ea == 0 {
            assert(n * q >= n) by (nonlinear_arith)
                requires
                    q >= 1,
                    n > 0,
            ;
        } else {
            let p = pow2((ea - 1) as nat) as int;
            lemma_pow2_pos((ea - 1) as nat);
            lemma_pow2_unfold(ea as nat);
            if ea < eb - 1 {
                lemma_pow2_strictly_increases(ea as nat, (eb - 1) as nat);
            }
            assert(2 * p <= q);
            assert((fa + n) * p < n * (2 * p)) by (nonlinear_arith)
                requires
                    fa < n,
                    p > 0,
            ;
            assert(n * (2 * p) <= n * q) by (nonlinear_arith)
                requires
                    2 * p <= q,
                    n > 0,
            ;
        }
    }
}

/// No magnitude has a negative value, and only zero has the value zero.
proof fn lemma_scale_nonnegative(a: int)
    requires
        a >= 0,
    ensures
        scale(a) >= 0,
        a > 0 ==> scale(a) > 0,
{
    if a > 0 {
        lemma_scale_increases(0, a);
    }
}

/// Two numbers are ordered as their signed magnitudes are.
pub proof fn lemma_key_orders(a: Single, b: Single)
    ensures
        ({
            let ka = if a.negative() { -a.magnitude() } else { a.magnitude() };
            let kb = if b.negative() { -b.magnitude() } else { b.magnitude() };
            &&& ka < kb <==> a.value() < b.value()
            &&& ka == kb <==> a.value() == b.value()
        }),
{
    lemma_scale_nonnegative(a.magnitude());
    lemma_scale_nonnegative(b.magnitude());
    if a.magnitude() < b.magnitude() {
        lemma_scale_increases(a.magnitude(), b.magnitude());
    }
    if b.magnitude() < a.magnitude() {
        lemma_scale_increases(b.magnitude(), a.magnitude());
    }
}

/// Numbers compare as their values do; zero and negative zero have the same value, and the value of a finite
/// number doubles with the next exponent.
pub proof fn law_numbers_compare_by_their_values(a: Single, b: Single)
    requires
        !a.nan(),
        !b.nan(),
    ensures
        a.below(b) <==> a.value() < b.value(),
        a.up_to(b) <==> a.value() <= b.value(),
        a.same(b) <==> a.value() == b.value(),
        Single::of(ZERO).value() == 0,
        Single::of(MINUS_ZERO).value() == 0,
        b.bits == a.bits + FRACTIONS && FRACTIONS <= a.bits < SIGN_BIT - FRACTIONS ==> b.value() == 2
            * a.value(),
        a.bits < FRACTIONS ==> a.value() == a.bits,
{
    if b.bits == a.bits + FRACTIONS && FRACTIONS <= a.bits < SIGN_BIT - FRACTIONS {
        let exponent = a.bits as int / (FRACTIONS as int);
        let fraction = a.bits as int % (FRACTIONS as int);
        assert(b.bits as int / (FRACTIONS as int) == exponent + 1);
        assert(b.bits as int % (FRACTIONS as int) == fraction);
        lemma_pow2_unfold(exponent as nat);
        let (f, p) = (fraction + FRACTIONS, pow2((exponent - 1) as nat) as int);
        assert(f * (2 * p) == 2 * (f * p)) by (nonlinear_arith);
    }
}

/// Of two numbers, one is less than the other or both are of the same value, and only one of these.
pub proof fn law_numbers_are_ordered(a: Single, b: Single)
    requires
        !a.nan(),
        !b.nan(),
    ensures
        a.below(b) || a.same(b) || b.below(a),
        !(a.below(b) && b.below(a)),
        a.same(b) ==> !a.below(b) && !b.below(a),
        a.up_to(b) <==> a.below(b) || a.same(b),
        a.up_to(b) <==> !b.below(a),
{
}

/// The order leads from one number to the next.
pub proof fn law_the_order_is_transitive(a: Single, b: Single, c: Single)
    ensures
        a.below(b) && b.below(c) ==> a.below(c),
        a.up_to(b) && b.up_to(c) ==> a.up_to(c),
        a.same(b) && b.same(c) ==> a.same(c),
{
}

/// What is not a number compares to nothing, not even to itself; a number equals itself.
pub proof fn law_only_numbers_compare(a: Single, b: Single)
    ensures
        a.nan() || b.nan() ==> !a.below(b) && !a.up_to(b) && !a.same(b),
        a.same(a) <==> !a.nan(),
{
}

/// Two numbers of the same value have the same pattern, unless both are zeros.
pub proof fn law_a_value_has_one_pattern(a: Single, b: Single)
    requires
        a.same(b),
    ensures
        a == b || (a.magnitude() == 0 && b.magnitude() == 0),
{
    lemma_key_orders(a, b);
}

/// A number that is floored is not less than its least value: it is the greater of the two, and what is not
/// a number stays as it is.
pub proof fn law_floored_numbers_are_not_less(a: Single, least: Single)
    ensures
        !a.floored(least).below(least),
        !a.nan() && !least.nan() ==> least.up_to(a.floored(least)),
        a.value() < least.value() && !a.nan() && !least.nan() ==> a.floored(least) == least,
        a.value() >= least.value() || a.nan() || least.nan() ==> a.floored(least) == a,
{
}

/// A number drawn into a range is the end of the range that it lies beyond, and itself where it lies beyond
/// neither; what is not a number stays as it is.
pub proof fn law_drawn_numbers_stay_or_go_to_the_nearer_end(a: Single, low: Single, high: Single)
    requires
        low.up_to(high),
    ensures
        a.nan() ==> a.drawn_between(low, high) == a,
        !a.nan() && a.value() < low.value() ==> a.drawn_between(low, high).value() == low.value(),
        !a.nan() && a.value() > high.value() ==> a.drawn_between(low, high).value() == high.value(),
        low.value() <= a.value() <= high.value() ==> a.drawn_between(low, high) == a,
{
}

/// Without its sign bit, a number is as far from zero, and not below it.
pub proof fn law_unsigned_numbers_keep_their_distance(a: Single)
    ensures
        a.unsigned().value() == a.value() || a.unsigned().value() == -a.value(),
        a.unsigned().value() >= 0,
        a.unsigned().nan() == a.nan(),
{
    lemma_scale_nonnegative(a.magnitude());
}

/// Negating twice changes nothing, and a negated number has the negated value.
pub proof fn law_negation_turns_the_value(a: Single)
    ensures
        a.negated().negated() == a,
        a.negated().value() == -a.value(),
        a.negated().nan() == a.nan(),
{
}

/// What has been sanitized is a number, and sanitizing it again changes nothing; what was not a number is
/// zero.
pub proof fn law_sanitized_is_a_number(a: Single)
    ensures
        !a.cleaned().nan(),
        a.cleaned().cleaned() == a.cleaned(),
        !a.nan() <==> a.cleaned() == a,
        a.nan() ==> a.cleaned().bits == 0,
{
}

} // verus!
